use vstd::prelude::*;

verus! {

/// `char::is_whitespace`: the characters with the Unicode `White_Space` property.
pub open spec fn is_whitespace(c: char) -> bool {
    let u = c as u32;
    ||| 0x09 <= u <= 0x0D
    ||| u == 0x20
    ||| u == 0x85
    ||| u == 0xA0
    ||| u == 0x1680
    ||| 0x2000 <= u <= 0x200A
    ||| u == 0x2028
    ||| u == 0x2029
    ||| u == 0x202F
    ||| u == 0x205F
    ||| u == 0x3000
}

/// `t` without one trailing carriage return.
pub open spec fn strip_cr(t: Seq<char>) -> Seq<char> {
    if t.len() > 0 && t.last() == '\r' {
        t.drop_last()
    } else {
        t
    }
}

/// The lines of `cur + s`, where `cur` is the part of a line read so far: pieces
/// between newlines, the newline dropped along with a carriage return just before it;
/// a last piece that is not ended by a newline counts when it is not empty.
pub open spec fn lines_from(s: Seq<char>, cur: Seq<char>) -> Seq<Seq<char>>
    decreases s.len(),
{
    if s.len() == 0 {
        if cur.len() == 0 {
            Seq::empty()
        } else {
            seq![cur]
        }
    } else if s[0] == '\n' {
        seq![strip_cr(cur)] + lines_from(s.drop_first(), Seq::empty())
    } else {
        lines_from(s.drop_first(), cur.push(s[0]))
    }
}

/// `str::lines`.
pub open spec fn lines(s: Seq<char>) -> Seq<Seq<char>> {
    lines_from(s, Seq::empty())
}

/// The whitespace-separated words of `cur + s`, where `cur` is the part of a word
/// read so far.
pub open spec fn words_from(s: Seq<char>, cur: Seq<char>) -> Seq<Seq<char>>
    decreases s.len(),
{
    if s.len() == 0 {
        if cur.len() == 0 {
            Seq::empty()
        } else {
            seq![cur]
        }
    } else if is_whitespace(s[0]) {
        (if cur.len() == 0 {
            Seq::<Seq<char>>::empty()
        } else {
            seq![cur]
        }) + words_from(s.drop_first(), Seq::empty())
    } else {
        words_from(s.drop_first(), cur.push(s[0]))
    }
}

/// `str::split_whitespace`.
pub open spec fn words(s: Seq<char>) -> Seq<Seq<char>> {
    words_from(s, Seq::empty())
}

/// The value of a string of decimal digits.
pub open spec fn digits_value(s: Seq<char>) -> nat
    decreases s.len(),
{
    if s.len() == 0 {
        0
    } else {
        digits_value(s.drop_last()) * 10 + ((s.last() as u32) - ('0' as u32)) as nat
    }
}

pub open spec fn all_digits(s: Seq<char>) -> bool {
    forall|i: int| 0 <= i < s.len() ==> '0' <= #[trigger] s[i] <= '9'
}

/// `usize::from_str`: an optional `+`, then at least one decimal digit, the value not
/// above `usize::MAX`.
pub open spec fn parse_usize(s: Seq<char>) -> Option<usize> {
    let d = if s.len() > 0 && s[0] == '+' {
        s.drop_first()
    } else {
        s
    };
    if d.len() > 0 && all_digits(d) && digits_value(d) <= usize::MAX {
        Some(digits_value(d) as usize)
    } else {
        None
    }
}

/// The sequences held by a vector of character vectors.
pub open spec fn seqs_of(v: Seq<Vec<char>>) -> Seq<Seq<char>> {
    v.map_values(|w: Vec<char>| w@)
}

/// Whether `c` is whitespace, see [`is_whitespace`].
pub fn char_is_whitespace(c: char) -> (r: bool)
    ensures
        r == is_whitespace(c),
{
    let u = c as u32;
    (0x09 <= u && u <= 0x0D) || u == 0x20 || u == 0x85 || u == 0xA0 || u == 0x1680 || (0x2000
        <= u && u <= 0x200A) || u == 0x2028 || u == 0x2029 || u == 0x202F || u == 0x205F || u
        == 0x3000
}

/// The characters of `s`, in order.
pub fn chars_of(s: &str) -> (r: Vec<char>)
    ensures
        r@ == s@,
{
    broadcast use vstd::string::group_string_axioms;

    let mut r: Vec<char> = Vec::new();
    for c in it: s.chars()
        invariant
            r@ == it.seq().take(it.index()),
            it.seq() == s@,
    {
        r.push(c);
    }
    assert(r@ =~= s@);
    r
}

/// The string made of `cs`, through `Iterator::collect::<String>`, which strings the
/// characters together in order.
#[verifier::external_body]
pub fn string_from_chars(cs: &[char]) -> (s: String)
    ensures
        s@ == cs@,
{
    cs.iter().collect()
}

/// The lines of `s`, see [`lines`].
pub fn split_lines(s: &[char]) -> (r: Vec<Vec<char>>)
    ensures
        seqs_of(r@) == lines(s@),
{
    let mut r: Vec<Vec<char>> = Vec::new();
    let mut cur: Vec<char> = Vec::new();
    let n = s.len();
    assert(s@.skip(0) =~= s@);
    assert(seqs_of(r@) =~= Seq::<Seq<char>>::empty());
    for t in 0..n
        invariant
            n == s@.len(),
            seqs_of(r@) + lines_from(s@.skip(t as int), cur@) == lines(s@),
    {
        let ghost rest = s@.skip(t as int);
        let ghost before = seqs_of(r@);
        let ghost c0 = cur@;
        assert(rest.drop_first() =~= s@.skip(t + 1));
        assert(rest[0] == s@[t as int]);
        if s[t] == '\n' {
            if cur.len() > 0 && cur[cur.len() - 1] == '\r' {
                cur.pop();
            }
            assert(cur@ =~= strip_cr(c0));
            r.push(cur);
            assert(seqs_of(r@) =~= before.push(strip_cr(c0)));
            cur = Vec::new();
            assert(cur@ =~= Seq::<char>::empty());
            assert(lines_from(rest, c0) == seq![strip_cr(c0)] + lines_from(s@.skip(t + 1), cur@));
            assert(before + (seq![strip_cr(c0)] + lines_from(s@.skip(t + 1), cur@)) =~= before.push(
                strip_cr(c0),
            ) + lines_from(s@.skip(t + 1), cur@));
        } else {
            cur.push(s[t]);
            assert(lines_from(rest, c0) == lines_from(s@.skip(t + 1), cur@));
        }
    }
    let ghost before = seqs_of(r@);
    assert(s@.skip(n as int) =~= Seq::<char>::empty());
    if cur.len() > 0 {
        let ghost c0 = cur@;
        r.push(cur);
        assert(seqs_of(r@) =~= before + seq![c0]);
    } else {
        assert(before + Seq::<Seq<char>>::empty() =~= before);
    }
    r
}

/// The whitespace-separated words of `s`, see [`words`].
pub fn split_words(s: &[char]) -> (r: Vec<Vec<char>>)
    ensures
        seqs_of(r@) == words(s@),
{
    let mut r: Vec<Vec<char>> = Vec::new();
    let mut cur: Vec<char> = Vec::new();
    let n = s.len();
    assert(s@.skip(0) =~= s@);
    assert(seqs_of(r@) =~= Seq::<Seq<char>>::empty());
    for t in 0..n
        invariant
            n == s@.len(),
            seqs_of(r@) + words_from(s@.skip(t as int), cur@) == words(s@),
    {
        let ghost rest = s@.skip(t as int);
        let ghost before = seqs_of(r@);
        let ghost c0 = cur@;
        assert(rest.drop_first() =~= s@.skip(t + 1));
        assert(rest[0] == s@[t as int]);
        if char_is_whitespace(s[t]) {
            if cur.len() > 0 {
                r.push(cur);
                assert(seqs_of(r@) =~= before + seq![c0]);
            } else {
                assert(before + Seq::<Seq<char>>::empty() =~= before);
            }
            cur = Vec::new();
            assert(cur@ =~= Seq::<char>::empty());
            let ghost emitted: Seq<Seq<char>> = if c0.len() == 0 {
                Seq::empty()
            } else {
                seq![c0]
            };
            assert(words_from(rest, c0) == emitted + words_from(s@.skip(t + 1), cur@));
            assert(before + (emitted + words_from(s@.skip(t + 1), cur@)) =~= (before + emitted)
                + words_from(s@.skip(t + 1), cur@));
        } else {
            cur.push(s[t]);
            assert(words_from(rest, c0) == words_from(s@.skip(t + 1), cur@));
        }
    }
    let ghost before = seqs_of(r@);
    assert(s@.skip(n as int) =~= Seq::<char>::empty());
    if cur.len() > 0 {
        let ghost c0 = cur@;
        r.push(cur);
        assert(seqs_of(r@) =~= before + seq![c0]);
    } else {
        assert(before + Seq::<Seq<char>>::empty() =~= before);
    }
    r
}

/// Reads `s` as a decimal number the way `usize::from_str` does, see [`parse_usize`].
pub fn parse_decimal(s: &[char]) -> (r: Option<usize>)
    ensures
        r == parse_usize(s@),
{
    let n = s.len();
    let start: usize = if n > 0 && s[0] == '+' {
        1
    } else {
        0
    };
    let ghost d = if s@.len() > 0 && s@[0] == '+' {
        s@.drop_first()
    } else {
        s@
    };
    assert(d =~= s@.subrange(start as int, n as int));
    if start == n {
        return None;
    }
    let mut value: u128 = 0;
    let mut t = start;
    while t < n
        invariant
            start <= t <= n,
            n == s@.len(),
            d == s@.subrange(start as int, n as int),
            d == (if s@.len() > 0 && s@[0] == '+' {
                s@.drop_first()
            } else {
                s@
            }),
            value == digits_value(s@.subrange(start as int, t as int)),
            value <= usize::MAX,
            all_digits(s@.subrange(start as int, t as int)),
        decreases n - t,
    {
        let c = s[t];
        let ghost pre = s@.subrange(start as int, t as int);
        let ghost next = s@.subrange(start as int, t + 1);
        assert(next.drop_last() =~= pre);
        assert(next.last() == c);
        if !('0' <= c && c <= '9') {
            assert(d[t - start] == c);
            assert(!('0' <= d[t - start] <= '9'));
            assert(!all_digits(d));
            return None;
        }
        value = value * 10 + ((c as u32) - ('0' as u32)) as u128;
        assert(all_digits(next)) by {
            assert forall|i: int| 0 <= i < next.len() implies '0' <= #[trigger] next[i] <= '9' by {
                if i < pre.len() {
                    assert(next[i] == pre[i]);
                }
            }
        }
        if value > usize::MAX as u128 {
            proof {
                if all_digits(d) {
                    lemma_digits_value_grows(d, (t + 1 - start) as nat);
                    assert(d.subrange(0, t + 1 - start) =~= next);
                }
            }
            return None;
        }
        t += 1;
    }
    assert(s@.subrange(start as int, n as int) == d);
    Some(value as usize)
}

/// Reading more digits never lowers the value.
pub proof fn lemma_digits_value_grows(d: Seq<char>, k: nat)
    requires
        k <= d.len(),
        all_digits(d),
    ensures
        digits_value(d.subrange(0, k as int)) <= digits_value(d),
    decreases d.len() - k,
{
    if k < d.len() {
        lemma_digits_value_grows(d, k + 1);
        let a = d.subrange(0, k as int);
        let b = d.subrange(0, k as int + 1);
        assert(b.drop_last() =~= a);
        assert('0' <= b.last() <= '9');
    } else {
        assert(d.subrange(0, k as int) =~= d);
    }
}

} // verus!
