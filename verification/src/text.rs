//! Small helpers for building text.

use vstd::prelude::*;

verus! {

/// `String::push` of std: appends the character to the end of the string and changes nothing else.
pub assume_specification[ String::push ](s: &mut String, c: char)
    ensures
        final(s)@ == old(s)@.push(c),
;

/// The characters of `c`, escaped for XML.
pub open spec fn escaped_char(c: char) -> Seq<char> {
    if c == '&' {
        seq!['&', 'a', 'm', 'p', ';']
    } else if c == '<' {
        seq!['&', 'l', 't', ';']
    } else if c == '>' {
        seq!['&', 'g', 't', ';']
    } else if c == '"' {
        seq!['&', 'q', 'u', 'o', 't', ';']
    } else if c == '\'' {
        seq!['&', 'a', 'p', 'o', 's', ';']
    } else {
        seq![c]
    }
}

/// The text with the five XML metacharacters escaped.
pub open spec fn escaped(s: Seq<char>) -> Seq<char>
    decreases s.len(),
{
    if s.len() == 0 {
        Seq::empty()
    } else {
        escaped(s.drop_last()) + escaped_char(s.last())
    }
}

/// Escape the five XML metacharacters, so that a name with an ampersand cannot corrupt a file.
pub fn xml_escape(s: &str) -> (o: String)
    ensures
        o@ == escaped(s@),
{
    let mut o: String = String::new();
    proof {
        reveal_strlit("&amp;");
        reveal_strlit("&lt;");
        reveal_strlit("&gt;");
        reveal_strlit("&quot;");
        reveal_strlit("&apos;");
        assert(s@.take(0) =~= Seq::<char>::empty());
    }
    for c in it: s.chars()
        invariant
            it.seq() == s@,
            o@ == escaped(s@.take(it.index() as int)),
            "&amp;"@ =~= escaped_char('&'),
            "&lt;"@ =~= escaped_char('<'),
            "&gt;"@ =~= escaped_char('>'),
            "&quot;"@ =~= escaped_char('"'),
            "&apos;"@ =~= escaped_char('\''),
    {
        let ghost i = it.index() as int;
        assert(s@.take(i + 1).drop_last() =~= s@.take(i));
        if c == '&' {
            o.append("&amp;");
        } else if c == '<' {
            o.append("&lt;");
        } else if c == '>' {
            o.append("&gt;");
        } else if c == '"' {
            o.append("&quot;");
        } else if c == '\'' {
            o.append("&apos;");
        } else {
            o.push(c);
        }
        assert(o@ =~= escaped(s@.take(i)) + escaped_char(c));
    }
    assert(s@.take(s@.len() as int) =~= s@);
    o
}

proof fn escaped_front(s: Seq<char>)
    requires
        s.len() > 0,
    ensures
        escaped(s) == escaped_char(s[0]) + escaped(s.skip(1)),
    decreases s.len(),
{
    if s.len() == 1 {
        assert(s.drop_last() =~= Seq::<char>::empty());
        assert(s.skip(1) =~= Seq::<char>::empty());
        assert(escaped(s) =~= escaped_char(s[0]) + escaped(s.skip(1)));
    } else {
        let t = s.drop_last();
        escaped_front(t);
        assert(s.skip(1).drop_last() =~= t.skip(1));
        assert(escaped(s) =~= escaped_char(s[0]) + escaped(s.skip(1)));
    }
}

/// `t` starts with `p`.
pub open spec fn starts_with(t: Seq<char>, p: Seq<char>) -> bool {
    p.len() <= t.len() && t.take(p.len() as int) == p
}

/// The metacharacter whose escape `t` starts with, and how long the escape is; failing that its
/// first character as it stands.
pub open spec fn unescaped_char(t: Seq<char>) -> (char, int) {
    if starts_with(t, escaped_char('&')) {
        ('&', 5)
    } else if starts_with(t, escaped_char('<')) {
        ('<', 4)
    } else if starts_with(t, escaped_char('>')) {
        ('>', 4)
    } else if starts_with(t, escaped_char('"')) {
        ('"', 6)
    } else if starts_with(t, escaped_char('\'')) {
        ('\'', 6)
    } else {
        (t[0], 1)
    }
}

/// What an XML reader makes of escaped text.
pub open spec fn unescaped(t: Seq<char>) -> Seq<char>
    decreases t.len(),
{
    if t.len() == 0 {
        Seq::empty()
    } else {
        let (c, n) = unescaped_char(t);
        if n > t.len() {
            Seq::empty()
        } else {
            seq![c] + unescaped(t.skip(n))
        }
    }
}

/// Reading escaped text gives back what was written.
pub proof fn escaping_is_undone(s: Seq<char>)
    ensures
        unescaped(escaped(s)) == s,
    decreases s.len(),
{
    if s.len() == 0 {
        assert(escaped(s) =~= Seq::<char>::empty());
        assert(s =~= Seq::<char>::empty());
    } else {
        let c = s[0];
        let rest = s.skip(1);
        escaped_front(s);
        escaping_is_undone(rest);
        let t = escaped(s);
        let e = escaped_char(c);
        assert(t == e + escaped(rest));
        assert(t.take(e.len() as int) =~= e);
        assert(t.skip(e.len() as int) =~= escaped(rest));
        assert(unescaped_char(t) == (c, e.len() as int)) by {
            let (amp, lt, gt, quot, apos) = (
                escaped_char('&'),
                escaped_char('<'),
                escaped_char('>'),
                escaped_char('"'),
                escaped_char('\''),
            );
            assert(t[0] == e[0]);
            if starts_with(t, amp) {
                assert(t[0] == t.take(5)[0] && t[1] == t.take(5)[1] && t[2] == t.take(5)[2]);
            }
            if starts_with(t, lt) {
                assert(t[0] == t.take(4)[0] && t[1] == t.take(4)[1]);
            }
            if starts_with(t, gt) {
                assert(t[0] == t.take(4)[0] && t[1] == t.take(4)[1]);
            }
            if starts_with(t, quot) {
                assert(t[0] == t.take(6)[0] && t[1] == t.take(6)[1]);
            }
            if starts_with(t, apos) {
                assert(t[0] == t.take(6)[0] && t[1] == t.take(6)[1] && t[2] == t.take(6)[2]);
            }
            if e.len() > 1 {
                assert(t[1] == e[1] && t[2] == e[2]);
            }
        }
        assert(seq![c] + rest =~= s);
    }
}

/// The escape of a metacharacter.
pub open spec fn is_escape(e: Seq<char>) -> bool {
    e == escaped_char('&') || e == escaped_char('<') || e == escaped_char('>') || e == escaped_char('"') || e == escaped_char('\'')
}

/// One of the five escapes stands in `t` from place `k` on.
pub open spec fn escape_at(t: Seq<char>, k: int) -> bool {
    exists|e: Seq<char>| #[trigger] is_escape(e) && starts_with(t.skip(k), e)
}

/// Escaped text holds no quote and no angle bracket, so it cannot end the attribute or the element
/// that it stands in, and every ampersand in it begins one of the five escapes.
pub proof fn escaped_text_is_inert(s: Seq<char>)
    ensures
        forall|k: int|
            0 <= k < escaped(s).len() ==> {
                let c = #[trigger] escaped(s)[k];
                c != '<' && c != '>' && c != '"' && c != '\''
            },
        forall|k: int| 0 <= k < escaped(s).len() && #[trigger] escaped(s)[k] == '&' ==> escape_at(escaped(s), k),
    decreases s.len(),
{
    if s.len() > 0 {
        escaped_text_is_inert(s.drop_last());
        let (front, back) = (escaped(s.drop_last()), escaped_char(s.last()));
        let t = escaped(s);
        assert forall|k: int| 0 <= k < t.len() implies {
            let c = #[trigger] t[k];
            c != '<' && c != '>' && c != '"' && c != '\''
        } by {
            if k < front.len() {
                assert(t[k] == front[k]);
            } else {
                assert(t[k] == back[k - front.len()]);
            }
        }
        assert forall|k: int| 0 <= k < t.len() && #[trigger] t[k] == '&' implies escape_at(t, k) by {
            if k < front.len() {
                assert(t[k] == front[k]);
                let e = choose|e: Seq<char>| #[trigger] is_escape(e) && starts_with(front.skip(k), e);
                assert(t.skip(k).take(e.len() as int) =~= front.skip(k).take(e.len() as int));
                assert(starts_with(t.skip(k), e));
            } else {
                assert(t[k] == back[k - front.len()]);
                assert(k == front.len());
                assert(t.skip(k) =~= back);
                assert(back.take(back.len() as int) =~= back);
                assert(is_escape(back) && starts_with(t.skip(k), back));
            }
        }
    }
}

// ---- numbers ----

/// The character of a decimal digit.
pub open spec fn digit_char(d: int) -> char {
    if d == 0 {
        '0'
    } else if d == 1 {
        '1'
    } else if d == 2 {
        '2'
    } else if d == 3 {
        '3'
    } else if d == 4 {
        '4'
    } else if d == 5 {
        '5'
    } else if d == 6 {
        '6'
    } else if d == 7 {
        '7'
    } else if d == 8 {
        '8'
    } else {
        '9'
    }
}

fn digit(d: u64) -> (c: char)
    requires
        d < 10,
    ensures
        c == digit_char(d as int),
{
    if d == 0 {
        '0'
    } else if d == 1 {
        '1'
    } else if d == 2 {
        '2'
    } else if d == 3 {
        '3'
    } else if d == 4 {
        '4'
    } else if d == 5 {
        '5'
    } else if d == 6 {
        '6'
    } else if d == 7 {
        '7'
    } else if d == 8 {
        '8'
    } else {
        '9'
    }
}

/// A whole number in decimal.
pub open spec fn decimal(n: nat) -> Seq<char>
    decreases n,
{
    if n < 10 {
        seq![digit_char(n as int)]
    } else {
        decimal(n / 10).push(digit_char((n % 10) as int))
    }
}

/// Append a whole number in decimal.
pub fn push_decimal(s: &mut String, n: u64)
    ensures
        final(s)@ == old(s)@ + decimal(n as nat),
    decreases n,
{
    if n < 10 {
        s.push(digit(n));
        assert(s@ =~= old(s)@ + decimal(n as nat));
    } else {
        push_decimal(s, n / 10);
        s.push(digit(n % 10));
        assert(s@ =~= old(s)@ + decimal(n as nat));
    }
}

/// A length in hundredths as a drawing states it: whole where it is whole, else with one or two
/// decimals, and without a trailing zero.
pub open spec fn dim_text(hundredths: int) -> Seq<char> {
    let sign = if hundredths < 0 { seq!['-'] } else { Seq::<char>::empty() };
    let size = if hundredths < 0 { -hundredths } else { hundredths };
    let whole = sign + decimal((size / 100) as nat);
    if size % 100 == 0 {
        whole
    } else if size % 10 == 0 {
        whole + seq!['.', digit_char((size % 100) / 10)]
    } else {
        whole + seq!['.', digit_char((size % 100) / 10), digit_char(size % 10)]
    }
}

/// Format a measured length, given in hundredths, the way a drawing states it.
pub fn format_dim(hundredths: i64) -> (s: String)
    ensures
        s@ == dim_text(hundredths as int),
{
    let mut s: String = String::new();
    let size: u64 = if hundredths < 0 {
        s.push('-');
        if hundredths == i64::MIN {
            9_223_372_036_854_775_808u64
        } else {
            (-hundredths) as u64
        }
    } else {
        hundredths as u64
    };
    let ghost sign = if hundredths < 0 { seq!['-'] } else { Seq::<char>::empty() };
    assert(s@ =~= sign);
    push_decimal(&mut s, size / 100);
    if size % 100 != 0 {
        let ghost whole = s@;
        s.push('.');
        s.push(digit((size % 100) / 10));
        if size % 10 != 0 {
            s.push(digit(size % 10));
            assert(s@ =~= whole + seq!['.', digit_char(((size as int) % 100) / 10), digit_char((size as int) % 10)]);
        } else {
            assert(s@ =~= whole + seq!['.', digit_char(((size as int) % 100) / 10)]);
        }
    }
    s
}

proof fn decimal_has_no_point(n: nat)
    ensures
        decimal(n).len() >= 1,
        forall|k: int| 0 <= k < decimal(n).len() ==> #[trigger] decimal(n)[k] != '.',
    decreases n,
{
    if n >= 10 {
        decimal_has_no_point(n / 10);
    }
}

/// A length reads as a bare integer exactly where it is one, and otherwise never ends in a zero.
pub proof fn dims_are_trimmed(hundredths: int)
    ensures
        dim_text(hundredths).contains('.') <==> hundredths % 100 != 0,
        hundredths % 100 != 0 ==> dim_text(hundredths).last() != '0',
{
    let size = if hundredths < 0 { -hundredths } else { hundredths };
    let t = dim_text(hundredths);
    let sign = if hundredths < 0 { seq!['-'] } else { Seq::<char>::empty() };
    let whole = sign + decimal((size / 100) as nat);
    decimal_has_no_point((size / 100) as nat);
    assert(size % 100 == 0 <==> hundredths % 100 == 0);
    if size % 100 == 0 {
        if t.contains('.') {
            let k = choose|k: int| 0 <= k < t.len() && t[k] == '.';
            assert(whole[k] == '.');
            if k >= sign.len() {
                assert(decimal((size / 100) as nat)[k - sign.len()] == '.');
            }
        }
    } else {
        assert(t[whole.len() as int] == '.');
    }
}

/// The number that digits say.
pub open spec fn value_of(s: Seq<char>) -> int
    decreases s.len(),
{
    if s.len() == 0 {
        0
    } else {
        10 * value_of(s.drop_last()) + (s.last() as int - '0' as int)
    }
}

/// A number is written in digits that say it, without a zero in front.
#[verifier::spinoff_prover]
#[verifier::rlimit(50)]
pub proof fn decimals_read_back(n: nat)
    ensures
        value_of(decimal(n)) == n,
        decimal(n).len() >= 1,
        forall|k: int| 0 <= k < decimal(n).len() ==> '0' <= #[trigger] decimal(n)[k] && decimal(n)[k] <= '9',
        decimal(n)[0] == '0' ==> n == 0 && decimal(n).len() == 1,
    decreases n,
{
    digits_say_themselves();
    let t = decimal(n);
    if n >= 10 {
        decimals_read_back(n / 10);
        let rest = decimal(n / 10);
        assert(t.drop_last() =~= rest);
        assert(t.last() == digit_char((n % 10) as int));
        assert(forall|k: int| 0 <= k < rest.len() ==> #[trigger] t[k] == rest[k]);
    } else {
        assert(t.drop_last() =~= Seq::<char>::empty());
        assert(value_of(t.drop_last()) == 0);
        assert(t.last() == digit_char(n as int));
    }
}

proof fn digits_say_themselves()
    ensures
        forall|d: int| 0 <= d < 10 ==> (#[trigger] digit_char(d)) as int - '0' as int == d && '0' <= digit_char(d) && digit_char(d) <= '9',
{
}

/// A length reads back: a minus where it is negative, the whole part, and behind a point the tenths
/// and, unless they are zero, the hundredths.
#[verifier::spinoff_prover]
#[verifier::rlimit(50)]
pub proof fn dims_read_back(hundredths: int)
    ensures
        ({
            let t = dim_text(hundredths);
            let size = if hundredths < 0 {
                -hundredths
            } else {
                hundredths
            };
            let body = if hundredths < 0 {
                t.drop_first()
            } else {
                t
            };
            let n = body.len() as int;
            &&& hundredths < 0 <==> t[0] == '-'
            &&& {
                ||| 100 * value_of(body) == size
                ||| n >= 3 && body[n - 2] == '.' && 100 * value_of(body.take(n - 2)) + 10 * value_of(body.skip(n - 1)) == size
                ||| n >= 4 && body[n - 3] == '.' && 100 * value_of(body.take(n - 3)) + value_of(body.skip(n - 2)) == size
            }
        }),
{
    let t = dim_text(hundredths);
    let size = if hundredths < 0 {
        -hundredths
    } else {
        hundredths
    };
    let whole = decimal((size / 100) as nat);
    decimals_read_back((size / 100) as nat);
    digits_say_themselves();
    let body = if hundredths < 0 {
        t.drop_first()
    } else {
        t
    };
    let n = body.len() as int;
    let (tenths, last) = (digit_char((size % 100) / 10), digit_char(size % 10));
    if size % 100 == 0 {
        assert(body =~= whole);
    } else if size % 10 == 0 {
        assert(body =~= whole + seq!['.', tenths]);
        assert(body.take(n - 2) =~= whole);
        assert(body.skip(n - 1) =~= seq![tenths]);
        one_digit(tenths);
    } else {
        assert(body =~= whole + seq!['.', tenths, last]);
        assert(body.take(n - 3) =~= whole);
        assert(body.skip(n - 2) =~= seq![tenths, last]);
        assert(seq![tenths, last].drop_last() =~= seq![tenths]);
        one_digit(tenths);
    }
    assert(whole[0] != '-');
    if hundredths >= 0 {
        assert(t[0] == whole[0]);
    }
}

proof fn one_digit(c: char)
    ensures
        value_of(seq![c]) == c as int - '0' as int,
{
    assert(seq![c].drop_last() =~= Seq::<char>::empty());
    assert(value_of(seq![c].drop_last()) == 0);
}

} // verus!
