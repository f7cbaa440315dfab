use vstd::prelude::*;

use crate::board::Cell;

verus! {

/// Whether `c` has the Unicode `White_Space` property.
pub open spec fn is_space(c: char) -> bool {
    ||| '\u{9}' <= c <= '\u{d}'
    ||| c == ' '
    ||| c == '\u{85}'
    ||| c == '\u{a0}'
    ||| c == '\u{1680}'
    ||| '\u{2000}' <= c <= '\u{200a}'
    ||| c == '\u{2028}'
    ||| c == '\u{2029}'
    ||| c == '\u{202f}'
    ||| c == '\u{205f}'
    ||| c == '\u{3000}'
}

/// Whether `c` has the Unicode `White_Space` property.
fn is_space_char(c: char) -> (r: bool)
    ensures
        r == is_space(c),
{
    ('\u{9}' <= c && c <= '\u{d}') || c == ' ' || c == '\u{85}' || c == '\u{a0}' || c == '\u{1680}' || ('\u{2000}'
        <= c && c <= '\u{200a}') || c == '\u{2028}' || c == '\u{2029}' || c == '\u{202f}' || c == '\u{205f}'
        || c == '\u{3000}'
}

/// Every character of `d` is an ASCII decimal digit.
pub open spec fn all_digits(d: Seq<char>) -> bool {
    forall|i: int| 0 <= i < d.len() ==> '0' <= #[trigger] d[i] <= '9'
}

/// The value of the decimal digits `d`.
pub open spec fn digits_value(d: Seq<char>) -> nat
    decreases d.len(),
{
    if d.len() == 0 {
        0
    } else {
        10 * digits_value(d.drop_last()) + ((d.last() as int) - ('0' as int)) as nat
    }
}

/// The `i32` that the text `t` denotes, if any: an optional `+` or `-`, then at least one
/// decimal digit and nothing else, with a value that fits.
pub open spec fn parse_i32(t: Seq<char>) -> Option<i32> {
    let neg = t.len() > 0 && t[0] == '-';
    let body = if t.len() > 0 && (t[0] == '-' || t[0] == '+') {
        t.drop_first()
    } else {
        t
    };
    if body.len() == 0 || !all_digits(body) {
        None
    } else {
        let v: int = if neg {
            -digits_value(body)
        } else {
            digits_value(body) as int
        };
        if i32::MIN <= v <= i32::MAX {
            Some(v as i32)
        } else {
            None
        }
    }
}

/// `nums` with the number that the word `cur` denotes, if `cur` is a word and denotes one.
pub open spec fn flush(cur: Seq<char>, nums: Seq<i32>) -> Seq<i32> {
    if cur.len() > 0 {
        match parse_i32(cur) {
            Some(v) => nums.push(v),
            None => nums,
        }
    } else {
        nums
    }
}

/// The numbers among the words of `s`, where words are separated by white space, when `cur`
/// is the word being read and `nums` the numbers found before.
pub open spec fn scan(s: Seq<char>, cur: Seq<char>, nums: Seq<i32>) -> Seq<i32>
    decreases s.len(),
{
    if s.len() == 0 {
        flush(cur, nums)
    } else if is_space(s[0]) {
        scan(s.drop_first(), Seq::empty(), flush(cur, nums))
    } else {
        scan(s.drop_first(), cur.push(s[0]), nums)
    }
}

/// The numbers among the words of `s`, in order; words that are no number are skipped.
pub open spec fn numbers_in(s: Seq<char>) -> Seq<i32> {
    scan(s, Seq::empty(), Seq::empty())
}

/// The number that the text `t` denotes, if any.
fn parse_number(t: &Vec<char>) -> (r: Option<i32>)
    ensures
        r == parse_i32(t@),
{
    let cap: u64 = 2147483649;
    let n = t.len();
    if n == 0 {
        return None;
    }
    let neg = t[0] == '-';
    let start: usize = if t[0] == '-' || t[0] == '+' {
        1
    } else {
        0
    };
    let ghost body = if t@.len() > 0 && (t@[0] == '-' || t@[0] == '+') {
        t@.drop_first()
    } else {
        t@
    };
    proof {
        assert(body =~= t@.skip(start as int));
    }
    if start == n {
        return None;
    }
    let mut acc: u64 = 0;
    let mut i: usize = start;
    while i < n
        invariant
            start <= i <= n,
            n == t@.len(),
            body == t@.skip(start as int),
            body == if t@.len() > 0 && (t@[0] == '-' || t@[0] == '+') {
                t@.drop_first()
            } else {
                t@
            },
            neg == (t@.len() > 0 && t@[0] == '-'),
            all_digits(t@.subrange(start as int, i as int)),
            acc as int == if digits_value(t@.subrange(start as int, i as int)) < cap {
                digits_value(t@.subrange(start as int, i as int)) as int
            } else {
                cap as int
            },
            cap == 2147483649,
        decreases n - i,
    {
        let c = t[i];
        if c < '0' || c > '9' {
            proof {
                assert(body[i - start] == c);
                assert(!all_digits(body));
            }
            return None;
        }
        let d = (c as u32 - '0' as u32) as u64;
        let next = acc * 10 + d;
        acc = if next < cap {
            next
        } else {
            cap
        };
        proof {
            let pre = t@.subrange(start as int, i as int);
            let post = t@.subrange(start as int, i + 1);
            assert(post.drop_last() =~= pre);
            assert(post.last() == c);
            assert(all_digits(post));
        }
        i = i + 1;
    }
    proof {
        assert(t@.subrange(start as int, n as int) =~= body);
    }
    if neg {
        if acc <= 2147483648 {
            Some((0 - (acc as i64)) as i32)
        } else {
            None
        }
    } else {
        if acc <= 2147483647 {
            Some(acc as i32)
        } else {
            None
        }
    }
}

/// The two numbers typed on `line`, when it holds exactly two.
pub open spec fn shot_input(line: Seq<char>) -> Option<(i32, i32)> {
    let nums = numbers_in(line);
    if nums.len() == 2 {
        Some((nums[0], nums[1]))
    } else {
        None
    }
}

/// Reads a shot typed as two numbers: the numbers among the words of `line`, when there are
/// exactly two of them; words that are no number are skipped.
pub fn parse_shot(line: &str) -> (r: Option<(i32, i32)>)
    ensures
        r == shot_input(line@),
{
    let n = line.unicode_len();
    let mut nums: Vec<i32> = Vec::new();
    let mut cur: Vec<char> = Vec::new();
    let mut i: usize = 0;
    proof {
        assert(line@.skip(0) =~= line@);
    }
    while i < n
        invariant
            i <= n,
            n == line@.len(),
            scan(line@.skip(i as int), cur@, nums@) == numbers_in(line@),
        decreases n - i,
    {
        let c = line.get_char(i);
        proof {
            assert(line@.skip(i as int)[0] == c);
            assert(line@.skip(i as int).drop_first() =~= line@.skip(i + 1));
        }
        if is_space_char(c) {
            if cur.len() > 0 {
                match parse_number(&cur) {
                    Some(v) => nums.push(v),
                    None => {},
                }
                cur = Vec::new();
            } else {
                proof {
                    assert(cur@ =~= Seq::<char>::empty());
                }
            }
        } else {
            cur.push(c);
        }
        i = i + 1;
    }
    proof {
        assert(line@.skip(n as int) =~= Seq::<char>::empty());
    }
    if cur.len() > 0 {
        match parse_number(&cur) {
            Some(v) => nums.push(v),
            None => {},
        }
    }
    if nums.len() == 2 {
        Some((nums[0], nums[1]))
    } else {
        None
    }
}

/// The board cell of a shot typed as `first second`: the numbers count from one, and the
/// first one picks the column, that is the second coordinate.
pub fn typed_cell(first: i32, second: i32) -> (c: Cell)
    requires
        first > i32::MIN,
        second > i32::MIN,
    ensures
        c@ == (second - 1, first - 1),
{
    Cell::new(second - 1, first - 1)
}

/// The white space that separates words is exactly the Unicode `White_Space` set: tab, line
/// feed, vertical tab, form feed, carriage return, space, next line, no-break space, ogham
/// space mark, the spaces from en quad to hair space, line and paragraph separators, narrow
/// no-break space, medium mathematical space and ideographic space.
pub proof fn law_white_space(c: char)
    ensures
        is_space(c) <==> (c == '\t' || c == '\n' || c == '\u{b}' || c == '\u{c}' || c == '\r' || c == ' '
            || c == '\u{85}' || c == '\u{a0}' || c == '\u{1680}' || c == '\u{2000}' || c == '\u{2001}'
            || c == '\u{2002}' || c == '\u{2003}' || c == '\u{2004}' || c == '\u{2005}' || c == '\u{2006}'
            || c == '\u{2007}' || c == '\u{2008}' || c == '\u{2009}' || c == '\u{200a}' || c == '\u{2028}'
            || c == '\u{2029}' || c == '\u{202f}' || c == '\u{205f}' || c == '\u{3000}'),
{
}

/// White space at the end of the text changes nothing about the words read.
proof fn lemma_scan_trailing_space(s: Seq<char>, cur: Seq<char>, nums: Seq<i32>, c: char)
    requires
        is_space(c),
    ensures
        scan(s.push(c), cur, nums) == scan(s, cur, nums),
    decreases s.len(),
{
    if s.len() == 0 {
        assert(s.push(c).drop_first() =~= Seq::<char>::empty());
        assert(scan(Seq::<char>::empty(), Seq::<char>::empty(), flush(cur, nums)) == flush(Seq::<char>::empty(), flush(cur, nums)));
    } else {
        assert(s.push(c)[0] == s[0]);
        assert(s.push(c).drop_first() =~= s.drop_first().push(c));
        if is_space(s[0]) {
            lemma_scan_trailing_space(s.drop_first(), Seq::empty(), flush(cur, nums), c);
        } else {
            lemma_scan_trailing_space(s.drop_first(), cur.push(s[0]), nums, c);
        }
    }
}

/// A line read with its line ending, a line feed or a carriage return and a line feed, gives
/// the same shot as the line without it: the line ending only separates words.
pub proof fn law_line_ending_ignored(line: Seq<char>)
    ensures
        shot_input(line.push('\n')) == shot_input(line),
        shot_input(line.push('\r').push('\n')) == shot_input(line),
{
    lemma_scan_trailing_space(line, Seq::empty(), Seq::empty(), '\n');
    lemma_scan_trailing_space(line, Seq::empty(), Seq::empty(), '\r');
    lemma_scan_trailing_space(line.push('\r'), Seq::empty(), Seq::empty(), '\n');
}

/// The decimal text of `n` is a run of digits, not starting with a sign, with value `n`.
proof fn lemma_decimal_digits(n: nat)
    ensures
        crate::render::decimal(n).len() > 0,
        all_digits(crate::render::decimal(n)),
        digits_value(crate::render::decimal(n)) == n,
    decreases n,
{
    reveal_strlit("0");
    reveal_strlit("1");
    reveal_strlit("2");
    reveal_strlit("3");
    reveal_strlit("4");
    reveal_strlit("5");
    reveal_strlit("6");
    reveal_strlit("7");
    reveal_strlit("8");
    reveal_strlit("9");
    let t = crate::render::decimal(n);
    let last = (n % 10) as int;
    let g = crate::render::digit(last);
    assert(g.len() == 1 && '0' <= g[0] <= '9' && (g[0] as int) - ('0' as int) == last);
    if n < 10 {
        assert(t == g);
        assert(t.drop_last().len() == 0);
        assert(digits_value(t.drop_last()) == 0);
        assert(t.last() == g[0]);
        assert(n % 10 == n);
        assert(digits_value(t) == 10 * digits_value(t.drop_last()) + ((t.last() as int) - ('0' as int)) as nat);
    } else {
        let h = crate::render::decimal(n / 10);
        lemma_decimal_digits(n / 10);
        assert(t == h + g);
        assert(t.drop_last() =~= h);
        assert(t.last() == g[0]);
        assert forall|i: int| 0 <= i < t.len() implies '0' <= #[trigger] t[i] <= '9' by {
            if i < h.len() {
                assert(t[i] == h[i]);
            }
        }
        assert(n == 10 * (n / 10) + n % 10);
        assert(digits_value(t) == 10 * digits_value(t.drop_last()) + ((t.last() as int) - ('0' as int)) as nat);
    }
}

/// Every number in range reads back from its decimal text, with a leading `-` as its negation
/// and with a leading `+` as itself.
pub proof fn law_number_text_read_back(n: nat)
    requires
        n <= i32::MAX,
    ensures
        parse_i32(crate::render::decimal(n)) == Some(n as i32),
        parse_i32(seq!['-'] + crate::render::decimal(n)) == Some((-n) as i32),
        parse_i32(seq!['+'] + crate::render::decimal(n)) == Some(n as i32),
{
    let t = crate::render::decimal(n);
    lemma_decimal_digits(n);
    assert('0' <= t[0] <= '9');
    assert((seq!['-'] + t).drop_first() =~= t);
    assert((seq!['+'] + t).drop_first() =~= t);
    assert((seq!['-'] + t)[0] == '-');
    assert((seq!['+'] + t)[0] == '+');
}

/// Reading a word with no white space in it only extends the word being read.
proof fn lemma_scan_word(w: Seq<char>, rest: Seq<char>, cur: Seq<char>, nums: Seq<i32>)
    requires
        forall|i: int| 0 <= i < w.len() ==> !is_space(#[trigger] w[i]),
    ensures
        scan(w + rest, cur, nums) == scan(rest, cur + w, nums),
    decreases w.len(),
{
    if w.len() == 0 {
        assert(w + rest =~= rest);
        assert(cur + w =~= cur);
    } else {
        let t = w.drop_first();
        assert((w + rest)[0] == w[0]);
        assert((w + rest).drop_first() =~= t + rest);
        assert forall|i: int| 0 <= i < t.len() implies !is_space(#[trigger] t[i]) by {
            assert(t[i] == w[i + 1]);
        }
        lemma_scan_word(t, rest, cur.push(w[0]), nums);
        assert(cur.push(w[0]) + t =~= cur + w);
    }
}

/// A shot typed as two numbers in decimal, separated by any white space character, reads
/// back as those two numbers.
pub proof fn law_typed_shot_reads_back(a: nat, b: nat, sep: char)
    requires
        a <= i32::MAX,
        b <= i32::MAX,
        is_space(sep),
    ensures
        shot_input(crate::render::decimal(a) + seq![sep] + crate::render::decimal(b)) == Some((a as i32, b as i32)),
{
    let da = crate::render::decimal(a);
    let db = crate::render::decimal(b);
    law_number_text_read_back(a);
    law_number_text_read_back(b);
    lemma_decimal_digits(a);
    lemma_decimal_digits(b);
    let e = Seq::<char>::empty();
    let text = da + seq![sep] + db;
    assert forall|i: int| 0 <= i < da.len() implies !is_space(#[trigger] da[i]) by {
        assert('0' <= da[i] <= '9');
    }
    assert forall|i: int| 0 <= i < db.len() implies !is_space(#[trigger] db[i]) by {
        assert('0' <= db[i] <= '9');
    }
    assert(text =~= da + (seq![sep] + db));
    lemma_scan_word(da, seq![sep] + db, e, Seq::empty());
    assert(e + da =~= da);
    let rest = seq![sep] + db;
    assert(rest[0] == sep);
    assert(rest.drop_first() =~= db + e);
    let one = flush(da, Seq::empty());
    assert(one == seq![a as i32]);
    lemma_scan_word(db, e, e, one);
    assert(e + db =~= db);
    assert(numbers_in(text) == flush(db, one));
    assert(numbers_in(text) == seq![a as i32, b as i32]);
}

} // verus!
